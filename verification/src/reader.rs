use vstd::prelude::*;

use crate::channel::FrameChannel;
use crate::channel::SendOutcome;
use crate::cursor::ByteCursor;
use crate::cursor::u16_le;
use crate::error::DecodeError;
use crate::frame::GifFrame;
use crate::frame::GraphicControlState;
use crate::frame::ImageDescriptor;
use crate::extension::parse_extension;
use crate::frame::DisposalMethod;
use crate::frame::assemble;
use crate::frame::copy_pixels;
use crate::frame::copy_region;
use crate::frame::dispose;
use crate::frame::FrameModel;
use crate::frame::default_control;
use crate::frame::frame_matches;
use crate::frame::frame_model;
use crate::frame::models_of;
use crate::frame::models_match;
use crate::frame::spec_composite;
use crate::frame::spec_disposed;
use crate::frame::lemma_composite_pointwise;
use crate::frame::lemma_disposed_pointwise;
use crate::extension::spec_extension;
use crate::lzw::spec_lzw;
use crate::subblock::spec_sub_blocks;
use crate::lzw::init_state;
use crate::lzw::lemma_lzw_output_len;
use crate::lzw::lemma_p2_increases;
use crate::lzw::lzw_decode;
use crate::lzw::p2;
use crate::lzw::pow2_u16;
use crate::subblock::lemma_sub_blocks_len;
use crate::subblock::read_sub_blocks;

verus! {

/// The format version named in the header.
#[derive(Clone, Copy, Debug, PartialEq, Eq, Structural)]
pub enum Version {
    /// No header parsed yet.
    Undefined,
    Version87a,
    Version89a,
}

/// Where the top-level block state machine stands.
#[derive(Clone, Copy, Debug, PartialEq, Eq, Structural)]
pub enum PipelineState {
    /// The header has not been read yet.
    Start,
    /// Between top-level blocks, ready for the next introducer.
    AwaitingBlock,
    /// The trailer was read; the stream decoded completely.
    Done,
    /// The consumer closed its end; decoding stopped.
    Aborted,
    /// A decode error stopped the stream for good.
    Failed,
}

/// How a `Read` call ended when no error stopped it.
#[derive(Clone, Copy, Debug, PartialEq, Eq, Structural)]
pub enum ReadStatus {
    /// The trailer was reached; every frame was delivered.
    Finished,
    /// The frame channel is full; the undelivered frame is retained
    /// and the next `Read` call offers it again.
    Blocked,
    /// The consumer closed its end; decoding stopped for good.
    Aborted,
}

/// How many frames may wait in the hand-off channel before the
/// producer blocks.
pub const FRAME_CHANNEL_CAPACITY: usize = 16;

/// The first three header bytes must spell "GIF".
pub open spec fn spec_signature_ok(s: Seq<u8>, p: int) -> bool {
    s[p] == 0x47 && s[p + 1] == 0x49 && s[p + 2] == 0x46
}

/// The three version bytes: "87a" or "89a", anything else refused.
pub open spec fn spec_version(s: Seq<u8>, p: int) -> Option<Version> {
    if s[p] == 0x38 && s[p + 1] == 0x37 && s[p + 2] == 0x61 {
        Some(Version::Version87a)
    } else if s[p] == 0x38 && s[p + 1] == 0x39 && s[p + 2] == 0x61 {
        Some(Version::Version89a)
    } else {
        None
    }
}

/// The color table size a packed byte encodes: `2^(N + 1)` for `N` in
/// its low three bits, so always one of 2, 4, ..., 256.
pub open spec fn spec_color_count(packed: u8) -> int {
    p2((packed & 7) as int + 1)
}

/// Bit 7 of the logical screen descriptor's packed byte: whether a
/// global color table follows.
pub open spec fn spec_has_global_table(packed: u8) -> bool {
    packed & 0x80 != 0
}

/// An RGB triple packed into one pixel value: red in the low byte,
/// then green, then blue.
pub open spec fn rgb_pixel(r: u8, g: u8, b: u8) -> u32 {
    (r as u32) | ((g as u32) << 8) | ((b as u32) << 16)
}

/// The image descriptor encoded in the nine bytes at `p`: offsets and
/// size little endian, then the packed byte with the local-table flag
/// (bit 7), the interlace flag (bit 6) and the local table size
/// exponent (bits 2..0).
pub open spec fn spec_image_descriptor(s: Seq<u8>, p: int) -> ImageDescriptor {
    ImageDescriptor {
        left: u16_le(s[p], s[p + 1]) as u16,
        top: u16_le(s[p + 2], s[p + 3]) as u16,
        width: u16_le(s[p + 4], s[p + 5]) as u16,
        height: u16_le(s[p + 6], s[p + 7]) as u16,
        interlaced: s[p + 8] & 0x40 != 0,
        has_local_table: s[p + 8] & 0x80 != 0,
        local_table_size: p2((s[p + 8] & 7) as int + 1) as u16,
    }
}

/// A 256-entry palette whose first `count` entries come from the RGB
/// triples at `p` and whose rest are zero.
pub open spec fn spec_palette(s: Seq<u8>, p: int, count: int) -> Seq<u32> {
    Seq::new(
        256,
        |i: int|
            if i < count {
                rgb_pixel(s[p + 3 * i], s[p + 3 * i + 1], s[p + 3 * i + 2])
            } else {
                0u32
            },
    )
}

/// What a well-formed header denotes: the document fields and the
/// position just past the header (global color table included).
pub ghost struct HeaderModel {
    pub version: Version,
    pub width: u16,
    pub height: u16,
    pub packed: u8,
    pub bg: u8,
    pub aspect: u8,
    pub end: int,
}

/// The header the bytes at `p` denote, or the error that rejects
/// them: signature, version, logical screen descriptor, and enough
/// bytes for the flagged global color table.
pub open spec fn spec_header(s: Seq<u8>, p: int) -> Result<HeaderModel, DecodeError> {
    if p + 3 > s.len() {
        Err(DecodeError::TruncatedInput)
    } else if !spec_signature_ok(s, p) {
        Err(DecodeError::BadSignature)
    } else if p + 6 > s.len() {
        Err(DecodeError::TruncatedInput)
    } else if spec_version(s, p + 3) is None {
        Err(DecodeError::UnsupportedVersion)
    } else if p + 13 > s.len() {
        Err(DecodeError::TruncatedInput)
    } else if spec_has_global_table(s[p + 10]) && p + 13 + 3 * spec_color_count(s[p + 10])
        > s.len() {
        Err(DecodeError::TruncatedInput)
    } else {
        Ok(
            HeaderModel {
                version: spec_version(s, p + 3).unwrap(),
                width: u16_le(s[p + 6], s[p + 7]) as u16,
                height: u16_le(s[p + 8], s[p + 9]) as u16,
                packed: s[p + 10],
                bg: s[p + 11],
                aspect: s[p + 12],
                end: p + 13 + if spec_has_global_table(s[p + 10]) {
                    3 * spec_color_count(s[p + 10])
                } else {
                    0
                },
            },
        )
    }
}

/// The global color table after the header: the loaded entries when
/// the flag is set, over the table held before; untouched otherwise.
pub open spec fn spec_header_table(s: Seq<u8>, p: int, old_table: Seq<u32>) -> Seq<u32> {
    if p + 13 <= s.len() && spec_has_global_table(s[p + 10]) {
        Seq::new(
            256,
            |i: int|
                if i < spec_color_count(s[p + 10]) {
                    rgb_pixel(s[p + 13 + 3 * i], s[p + 14 + 3 * i], s[p + 15 + 3 * i])
                } else {
                    old_table[i]
                },
        )
    } else {
        old_table
    }
}

/// A kind of top-level block, told apart by its introducer byte.
#[derive(Clone, Copy, Debug, PartialEq, Eq, Structural)]
pub enum BlockKind {
    Extension,
    Image,
    Trailer,
}

/// Reads one top-level block introducer: 0x21 begins an extension,
/// 0x2C an image, and 0x3B is the trailer. A stream that ends here is
/// `TruncatedInput`, and any other byte is `MalformedBlock`: a stream
/// without its trailer is never treated as a successful end.
pub fn read_introducer(cur: &mut ByteCursor) -> (r: Result<BlockKind, DecodeError>)
    requires
        old(cur).wf(),
    ensures
        final(cur).wf(),
        final(cur).bytes() == old(cur).bytes(),
        ({
            let s = old(cur).bytes();
            let p = old(cur).position();
            if p >= s.len() {
                (r matches Err(e) && e == DecodeError::TruncatedInput) && final(cur).position()
                    == p
            } else if s[p] == 0x21 {
                r == Ok::<BlockKind, DecodeError>(BlockKind::Extension) && final(cur).position()
                    == p + 1
            } else if s[p] == 0x2c {
                r == Ok::<BlockKind, DecodeError>(BlockKind::Image) && final(cur).position() == p
                    + 1
            } else if s[p] == 0x3b {
                r == Ok::<BlockKind, DecodeError>(BlockKind::Trailer) && final(cur).position() == p
                    + 1
            } else {
                (r matches Err(e) && e == DecodeError::MalformedBlock)
            }
        }),
{
    let b = match cur.read_u8() {
        Ok(b) => b,
        Err(e) => {
            return Err(e);
        },
    };
    if b == 0x21 {
        Ok(BlockKind::Extension)
    } else if b == 0x2c {
        Ok(BlockKind::Image)
    } else if b == 0x3b {
        Ok(BlockKind::Trailer)
    } else {
        Err(DecodeError::MalformedBlock)
    }
}

/// Reads the nine-byte image descriptor that follows an image
/// introducer.
pub fn read_image_descriptor(cur: &mut ByteCursor) -> (r: Result<ImageDescriptor, DecodeError>)
    requires
        old(cur).wf(),
    ensures
        final(cur).wf(),
        final(cur).bytes() == old(cur).bytes(),
        final(cur).position() >= old(cur).position(),
        old(cur).remaining() >= 9 ==> (r matches Ok(d) && d == spec_image_descriptor(
            old(cur).bytes(),
            old(cur).position(),
        )) && final(cur).position() == old(cur).position() + 9,
        old(cur).remaining() < 9 ==> (r matches Err(e) && e == DecodeError::TruncatedInput),
{
    if cur.remaining_len() < 9 {
        return Err(DecodeError::TruncatedInput);
    }
    let left = match cur.read_u16_le() {
        Ok(v) => v,
        Err(e) => {
            return Err(e);
        },
    };
    let top = match cur.read_u16_le() {
        Ok(v) => v,
        Err(e) => {
            return Err(e);
        },
    };
    let width = match cur.read_u16_le() {
        Ok(v) => v,
        Err(e) => {
            return Err(e);
        },
    };
    let height = match cur.read_u16_le() {
        Ok(v) => v,
        Err(e) => {
            return Err(e);
        },
    };
    let packed = match cur.read_u8() {
        Ok(b) => b,
        Err(e) => {
            return Err(e);
        },
    };
    proof {
        assert(packed & 7 <= 7) by (bit_vector);
    }
    let size = pow2_u16((packed & 7) as u16 + 1);
    Ok(
        ImageDescriptor {
            left,
            top,
            width,
            height,
            interlaced: packed & 0x40 != 0,
            has_local_table: packed & 0x80 != 0,
            local_table_size: size,
        },
    )
}

/// The streaming decoder: the document fields filled by the header,
/// the composition canvas, and the state of the top-level block
/// machine. One decode session owns its palette and canvas
/// exclusively.
pub struct GifReader {
    pub version: Version,
    pub width: u16,
    pub height: u16,
    /// The global color table, kept at 256 entries; only the first
    /// `color_count` come from the stream, the rest stay zero.
    pub color_table: Vec<u32>,
    pub color_count: usize,
    pub background_color_index: u8,
    pub pixel_aspect_ratio: u8,
    /// Where the block state machine stands.
    pub state: PipelineState,
    /// The next unread byte of the source stream.
    pub pos: usize,
    /// The composition buffer, one cell per logical-screen pixel.
    /// Never handed out: frames carry copies.
    pub canvas: Vec<u32>,
    /// Graphic-control state for exactly the next image.
    pub control: GraphicControlState,
    /// A frame the channel refused as full, kept for the next try.
    pub pending: Option<GifFrame>,
    /// The error that moved the state to `Failed`.
    pub error: Option<DecodeError>,
}

/// The consumer's end of the decode: frames arrive through its
/// bounded channel in decode order.
pub struct GifController {
    pub frame_receiver: FrameChannel,
}

impl GifController {
    /// Receives the next frame in decode order, if one is queued.
    pub fn receive(&mut self) -> (r: Option<GifFrame>)
        requires
            old(self).frame_receiver.wf(),
        ensures
            final(self).frame_receiver.wf(),
            old(self).frame_receiver.frames().len() == 0 ==> r is None,
            old(self).frame_receiver.frames().len() > 0 ==> (r matches Some(f) && f == old(self).frame_receiver.frames()[0]) && final(self).frame_receiver.frames() == old(self).frame_receiver.frames().subrange(1, old(self).frame_receiver.frames().len() as int),
    {
        self.frame_receiver.recv()
    }

    /// Stops receiving: the producer observes the closed channel at
    /// its next hand-off and aborts.
    pub fn close(&mut self)
        requires
            old(self).frame_receiver.wf(),
        ensures
            final(self).frame_receiver.wf(),
            final(self).frame_receiver.is_closed(),
            final(self).frame_receiver.frames() == old(self).frame_receiver.frames(),
    {
        self.frame_receiver.close()
    }
}

/// A zero-filled pixel buffer of length `n` (fully transparent).
fn zero_pixels(n: usize) -> (r: Vec<u32>)
    ensures
        r@.len() == n,
        forall|i: int| 0 <= i < n ==> r@[i] == 0u32,
{
    let mut out: Vec<u32> = Vec::new();
    let mut i: usize = 0;
    while i < n
        invariant
            i <= n,
            out@.len() == i,
            forall|i2: int| 0 <= i2 < i ==> out@[i2] == 0u32,
        decreases n - i,
    {
        out.push(0u32);
        i = i + 1;
    }
    out
}

impl GifReader {
    /// State invariant: the table always holds 256 entries, the canvas
    /// matches the logical screen once the header is in, and a failed
    /// reader remembers its error.
    pub open spec fn wf(&self) -> bool {
        &&& self.color_table@.len() == 256
        &&& self.color_count <= 256
        &&& (self.state == PipelineState::AwaitingBlock ==> self.canvas@.len() == self.width as int
            * self.height as int)
        &&& (self.state == PipelineState::Failed ==> self.error is Some)
        &&& (self.pending is Some ==> self.state == PipelineState::AwaitingBlock)
    }

    /// Reads the global color table: `color_count` RGB triples,
    /// consuming exactly three bytes per entry. Entries past
    /// `color_count` keep their previous value.
    #[allow(non_snake_case)]
    pub fn ReadColorTable(&mut self, cur: &mut ByteCursor) -> (r: Result<(), DecodeError>)
        requires
            old(self).color_table@.len() == 256,
            old(self).color_count <= 256,
            old(cur).wf(),
        ensures
            final(cur).wf(),
            final(cur).bytes() == old(cur).bytes(),
            final(cur).position() >= old(cur).position(),
            final(self).color_table@.len() == 256,
            final(self).color_count == old(self).color_count,
            final(self).version == old(self).version,
            final(self).width == old(self).width,
            final(self).height == old(self).height,
            final(self).background_color_index == old(self).background_color_index,
            final(self).pixel_aspect_ratio == old(self).pixel_aspect_ratio,
            final(self).state == old(self).state,
            final(self).pos == old(self).pos,
            final(self).canvas == old(self).canvas,
            final(self).control == old(self).control,
            final(self).pending == old(self).pending,
            final(self).error == old(self).error,
            old(cur).remaining() >= 3 * old(self).color_count ==> r is Ok && final(cur).position()
                == old(cur).position() + 3 * old(self).color_count && (forall|i: int|
                0 <= i < old(self).color_count ==> final(self).color_table@[i] == rgb_pixel(
                    old(cur).bytes()[old(cur).position() + 3 * i],
                    old(cur).bytes()[old(cur).position() + 3 * i + 1],
                    old(cur).bytes()[old(cur).position() + 3 * i + 2],
                )) && (forall|i: int|
                old(self).color_count <= i < 256 ==> final(self).color_table@[i] == old(self).color_table@[i]),
            old(cur).remaining() < 3 * old(self).color_count ==> (r matches Err(e) && e
                == DecodeError::TruncatedInput) && final(self).color_table == old(self).color_table,
    {
        let count = self.color_count;
        let table_bytes = match cur.read_exact(3 * count) {
            Ok(v) => v,
            Err(e) => {
                return Err(e);
            },
        };
        let ghost base = old(cur).position();
        let ghost s = old(cur).bytes();
        let mut i: usize = 0;
        while i < count
            invariant
                i <= count,
                count <= 256,
                count == old(self).color_count,
                table_bytes@.len() == 3 * count,
                0 <= base,
                base + 3 * count <= s.len(),
                table_bytes@ == s.subrange(base, base + 3 * count),
                self.color_table@.len() == 256,
                forall|i2: int|
                    0 <= i2 < i ==> self.color_table@[i2] == rgb_pixel(
                        s[base + 3 * i2],
                        s[base + 3 * i2 + 1],
                        s[base + 3 * i2 + 2],
                    ),
                forall|i2: int|
                    i <= i2 < 256 ==> self.color_table@[i2] == old(self).color_table@[i2],
                self.color_count == old(self).color_count,
                self.version == old(self).version,
                self.width == old(self).width,
                self.height == old(self).height,
                self.background_color_index == old(self).background_color_index,
                self.pixel_aspect_ratio == old(self).pixel_aspect_ratio,
                self.state == old(self).state,
                self.pos == old(self).pos,
                self.canvas == old(self).canvas,
                self.control == old(self).control,
                self.pending == old(self).pending,
                self.error == old(self).error,
            decreases count - i,
        {
            let r0 = table_bytes[3 * i];
            let g0 = table_bytes[3 * i + 1];
            let b0 = table_bytes[3 * i + 2];
            let v = (r0 as u32) | ((g0 as u32) << 8) | ((b0 as u32) << 16);
            proof {
                assert(r0 == s[base + 3 * i]);
                assert(g0 == s[base + 3 * i + 1]);
                assert(b0 == s[base + 3 * i + 2]);
                assert(v == rgb_pixel(s[base + 3 * i], s[base + 3 * i + 1], s[base + 3 * i + 2]));
            }
            self.color_table[i] = v;
            i = i + 1;
        }
        Ok(())
    }
}

/// A 256-entry palette whose first `count` entries come from RGB
/// triples on the stream and whose rest stay zero; exactly
/// `3 * count` bytes are consumed.
pub fn read_palette(cur: &mut ByteCursor, count: usize) -> (r: Result<Vec<u32>, DecodeError>)
    requires
        count <= 256,
        old(cur).wf(),
    ensures
        final(cur).wf(),
        final(cur).bytes() == old(cur).bytes(),
        final(cur).position() >= old(cur).position(),
        old(cur).remaining() >= 3 * count ==> (r matches Ok(t) && t@ == spec_palette(
            old(cur).bytes(),
            old(cur).position(),
            count as int,
        ) && t@.len() == 256 && (forall|
            i: int,
        |
            0 <= i < count ==> t@[i] == rgb_pixel(
                old(cur).bytes()[old(cur).position() + 3 * i],
                old(cur).bytes()[old(cur).position() + 3 * i + 1],
                old(cur).bytes()[old(cur).position() + 3 * i + 2],
            )) && (forall|i: int| count <= i < 256 ==> t@[i] == 0u32)) && final(cur).position()
            == old(cur).position() + 3 * count,
        old(cur).remaining() < 3 * count ==> (r matches Err(e) && e
            == DecodeError::TruncatedInput),
{
    let table_bytes = match cur.read_exact(3 * count) {
        Ok(v) => v,
        Err(e) => {
            return Err(e);
        },
    };
    let ghost base = old(cur).position();
    let ghost s = old(cur).bytes();
    let mut out = zero_pixels(256);
    let mut i: usize = 0;
    while i < count
        invariant
            i <= count,
            count <= 256,
            table_bytes@.len() == 3 * count,
            0 <= base,
            base + 3 * count <= s.len(),
            table_bytes@ == s.subrange(base, base + 3 * count),
            out@.len() == 256,
            forall|i2: int|
                0 <= i2 < i ==> out@[i2] == rgb_pixel(
                    s[base + 3 * i2],
                    s[base + 3 * i2 + 1],
                    s[base + 3 * i2 + 2],
                ),
            forall|i2: int| i <= i2 < 256 ==> out@[i2] == 0u32,
        decreases count - i,
    {
        let r0 = table_bytes[3 * i];
        let g0 = table_bytes[3 * i + 1];
        let b0 = table_bytes[3 * i + 2];
        let v = (r0 as u32) | ((g0 as u32) << 8) | ((b0 as u32) << 16);
        proof {
            assert(r0 == s[base + 3 * i]);
            assert(g0 == s[base + 3 * i + 1]);
            assert(b0 == s[base + 3 * i + 2]);
            assert(v == rgb_pixel(s[base + 3 * i], s[base + 3 * i + 1], s[base + 3 * i + 2]));
        }
        out[i] = v;
        i = i + 1;
    }
    proof {
        assert(out@ =~= spec_palette(s, base, count as int));
    }
    Ok(out)
}

/// Creates the controller and reader pair: a fresh reader before its
/// header, and the consumer's end of the bounded frame channel.
pub fn init_gif_reader() -> (r: (GifController, GifReader))
    ensures
        r.1.wf(),
        r.1.state == PipelineState::Start,
        r.1.version == Version::Undefined,
        r.1.width == 0,
        r.1.height == 0,
        r.1.color_count == 0,
        r.1.background_color_index == 0,
        r.1.pixel_aspect_ratio == 0,
        forall|i: int| 0 <= i < 256 ==> r.1.color_table@[i] == 0u32,
        r.1.canvas@.len() == 0,
        r.1.control == crate::frame::default_control(),
        r.1.pos == 0,
        r.1.pending is None,
        r.1.error is None,
        r.0.frame_receiver.wf(),
        r.0.frame_receiver.frames() == Seq::<GifFrame>::empty(),
        r.0.frame_receiver.capacity_spec() == FRAME_CHANNEL_CAPACITY as int,
        !r.0.frame_receiver.is_closed(),
{
    let controller = GifController { frame_receiver: FrameChannel::new(FRAME_CHANNEL_CAPACITY) };
    let reader = GifReader {
        version: Version::Undefined,
        width: 0,
        height: 0,
        color_table: zero_pixels(256),
        color_count: 0,
        background_color_index: 0,
        pixel_aspect_ratio: 0,
        state: PipelineState::Start,
        pos: 0,
        canvas: Vec::new(),
        control: GraphicControlState::defaults(),
        pending: None,
        error: None,
    };
    (controller, reader)
}


/// An extension block's denotation always moves forward and ends
/// inside the stream.
pub proof fn lemma_extension_end(s: Seq<u8>, p: int, control: GraphicControlState)
    ensures
        spec_extension(s, p, control) matches Ok(x) ==> p < x.1 <= s.len(),
{
    lemma_sub_blocks_len(s, p + 1);
}

/// Everything the pipeline still emits from one mid-stream point:
/// the frames, in decode order, and the terminal outcome — `Ok` at
/// the trailer, else the error that stops the stream. `canvas` and
/// `control` carry the composition state the previous blocks left.
pub open spec fn spec_blocks(
    s: Seq<u8>,
    pos: int,
    screen_w: u16,
    screen_h: u16,
    table: Seq<u32>,
    bg_index: u8,
    canvas: Seq<u32>,
    control: GraphicControlState,
) -> (Seq<FrameModel>, Result<(), DecodeError>)
    decreases s.len() - pos,
    when 0 <= pos
    via spec_blocks_decreases
{
    if pos >= s.len() {
        (Seq::<FrameModel>::empty(), Err(DecodeError::TruncatedInput))
    } else if s[pos] == 0x3b {
        (Seq::<FrameModel>::empty(), Ok(()))
    } else if s[pos] == 0x21 {
        match spec_extension(s, pos + 1, control) {
            Err(e) => (Seq::<FrameModel>::empty(), Err(e)),
            Ok(x) => spec_blocks(s, x.1, screen_w, screen_h, table, bg_index, canvas, x.0),
        }
    } else if s[pos] == 0x2c {
        if pos + 10 > s.len() {
            (Seq::<FrameModel>::empty(), Err(DecodeError::TruncatedInput))
        } else {
            let d = spec_image_descriptor(s, pos + 1);
            if d.left as int + d.width as int > screen_w as int || d.top as int + d.height as int
                > screen_h as int {
                (Seq::<FrameModel>::empty(), Err(DecodeError::MalformedBlock))
            } else if d.has_local_table && pos + 10 + 3 * d.local_table_size as int > s.len() {
                (Seq::<FrameModel>::empty(), Err(DecodeError::TruncatedInput))
            } else {
                let palette = if d.has_local_table {
                    spec_palette(s, pos + 10, d.local_table_size as int)
                } else {
                    table
                };
                let mpos = if d.has_local_table {
                    pos + 10 + 3 * d.local_table_size as int
                } else {
                    pos + 10
                };
                if mpos >= s.len() {
                    (Seq::<FrameModel>::empty(), Err(DecodeError::TruncatedInput))
                } else if s[mpos] < 2 || s[mpos] > 8 {
                    (Seq::<FrameModel>::empty(), Err(DecodeError::MalformedBlock))
                } else {
                    match spec_sub_blocks(s, mpos + 1) {
                        None => (Seq::<FrameModel>::empty(), Err(DecodeError::TruncatedInput)),
                        Some(unit) => match spec_lzw(
                            unit.0,
                            s[mpos] as int,
                            0,
                            init_state(s[mpos] as int),
                            Seq::<u8>::empty(),
                            d.width as int * d.height as int,
                        ) {
                            Err(e) => (Seq::<FrameModel>::empty(), Err(e)),
                            Ok(indices) => {
                                let c1 = spec_composite(
                                    canvas,
                                    indices,
                                    d,
                                    palette,
                                    control,
                                    screen_w as int,
                                );
                                let fm = FrameModel {
                                    width: screen_w,
                                    height: screen_h,
                                    pixels: c1,
                                    delay_cs: control.delay_cs,
                                    disposal: control.disposal,
                                };
                                let c2 = spec_disposed(
                                    c1,
                                    canvas,
                                    d,
                                    control,
                                    table,
                                    bg_index,
                                    screen_w as int,
                                );
                                let rest = spec_blocks(
                                    s,
                                    unit.1,
                                    screen_w,
                                    screen_h,
                                    table,
                                    bg_index,
                                    c2,
                                    default_control(),
                                );
                                (seq![fm] + rest.0, rest.1)
                            },
                        },
                    }
                }
            }
        }
    } else {
        (Seq::<FrameModel>::empty(), Err(DecodeError::MalformedBlock))
    }
}

#[via_fn]
proof fn spec_blocks_decreases(
    s: Seq<u8>,
    pos: int,
    screen_w: u16,
    screen_h: u16,
    table: Seq<u32>,
    bg_index: u8,
    canvas: Seq<u32>,
    control: GraphicControlState,
) {
    if 0 <= pos < s.len() {
        if s[pos] == 0x21 {
            lemma_extension_end(s, pos + 1, control);
        } else if s[pos] == 0x2c && pos + 10 <= s.len() {
            let d = spec_image_descriptor(s, pos + 1);
            let mpos = if d.has_local_table {
                pos + 10 + 3 * d.local_table_size as int
            } else {
                pos + 10
            };
            lemma_sub_blocks_len(s, mpos + 1);
        }
    }
}

/// Everything a `Read` call can still produce from a reader's current
/// state: the frames not yet delivered, in decode order, and the
/// terminal outcome of the stream. A fresh reader denotes the header
/// parse followed by the block stream over a zeroed canvas; a resumed
/// one continues from its position, its held frame first.
pub open spec fn spec_read_from(rd: GifReader, s: Seq<u8>) -> (
    Seq<FrameModel>,
    Result<(), DecodeError>,
) {
    if rd.state == PipelineState::Start {
        match spec_header(s, rd.pos as int) {
            Err(e) => (Seq::<FrameModel>::empty(), Err(e)),
            Ok(h) => spec_blocks(
                s,
                h.end,
                h.width,
                h.height,
                spec_header_table(s, rd.pos as int, rd.color_table@),
                h.bg,
                Seq::new((h.width as int * h.height as int) as nat, |i: int| 0u32),
                rd.control,
            ),
        }
    } else {
        let tail = spec_blocks(
            s,
            rd.pos as int,
            rd.width,
            rd.height,
            rd.color_table@,
            rd.background_color_index,
            rd.canvas@,
            rd.control,
        );
        match rd.pending {
            Some(f) => (seq![frame_model(f)] + tail.0, tail.1),
            None => tail,
        }
    }
}

impl GifReader {
    /// Records a decode failure: the pipeline stops for good and the
    /// error is surfaced to the consumer.
    fn fail(&mut self, e: DecodeError) -> (r: DecodeError)
        ensures
            final(self).state == PipelineState::Failed,
            final(self).error == Some(e),
            r == e,
            final(self).color_table == old(self).color_table,
            final(self).color_count == old(self).color_count,
            final(self).version == old(self).version,
            final(self).width == old(self).width,
            final(self).height == old(self).height,
            final(self).background_color_index == old(self).background_color_index,
            final(self).pixel_aspect_ratio == old(self).pixel_aspect_ratio,
            final(self).pos == old(self).pos,
            final(self).canvas == old(self).canvas,
            final(self).control == old(self).control,
            final(self).pending == old(self).pending,
    {
        self.state = PipelineState::Failed;
        self.error = Some(e);
        e
    }

    /// Reads the header: the "GIF" signature, the "87a" or "89a"
    /// version, the logical screen descriptor, and the global color
    /// table when its flag is set (exactly `3 * 2^(N + 1)` bytes for
    /// the packed field's low bits `N`).
    #[allow(non_snake_case)]
    pub fn ReadHeader(&mut self, cur: &mut ByteCursor) -> (r: Result<(), DecodeError>)
        requires
            old(self).color_table@.len() == 256,
            old(self).color_count <= 256,
            old(cur).wf(),
        ensures
            final(cur).wf(),
            final(cur).bytes() == old(cur).bytes(),
            final(cur).position() >= old(cur).position(),
            final(self).color_table@.len() == 256,
            final(self).color_count <= 256,
            final(self).state == old(self).state,
            final(self).pos == old(self).pos,
            final(self).canvas == old(self).canvas,
            final(self).control == old(self).control,
            final(self).pending == old(self).pending,
            final(self).error == old(self).error,
            ({
                let s = old(cur).bytes();
                let p = old(cur).position();
                match spec_header(s, p) {
                    Ok(h) => r is Ok && final(self).version == h.version && final(self).width
                        == h.width && final(self).height == h.height && final(self).color_count
                        == spec_color_count(h.packed) && final(self).background_color_index
                        == h.bg && final(self).pixel_aspect_ratio == h.aspect && final(cur).position() == h.end && final(self).color_table@ == spec_header_table(
                        s,
                        p,
                        old(self).color_table@,
                    ),
                    Err(e) => (r matches Err(e2) && e2 == e) && final(self).color_table == old(self).color_table && (if p + 13 <= s.len() && spec_signature_ok(s, p)
                        && spec_version(s, p + 3) is Some {
                        // the failure came in the table phase: the
                        // scalar fields already hold the parsed values
                        final(self).version == spec_version(s, p + 3).unwrap() && final(self).width == u16_le(s[p + 6], s[p + 7]) && final(self).height == u16_le(
                            s[p + 8],
                            s[p + 9],
                        ) && final(self).color_count == spec_color_count(s[p + 10]) && final(self).background_color_index == s[p + 11] && final(self).pixel_aspect_ratio
                            == s[p + 12]
                    } else {
                        final(self).version == old(self).version && final(self).width == old(self).width && final(self).height == old(self).height && final(self).color_count == old(self).color_count && final(self).background_color_index == old(self).background_color_index && final(self).pixel_aspect_ratio == old(self).pixel_aspect_ratio
                    }),
                }
            }),
    {
        let ghost s = old(cur).bytes();
        let ghost p = old(cur).position();
        let sig = match cur.read_exact(3) {
            Ok(v) => v,
            Err(e) => {
                return Err(e);
            },
        };
        if !(sig[0] == 0x47 && sig[1] == 0x49 && sig[2] == 0x46) {
            return Err(DecodeError::BadSignature);
        }
        let ver = match cur.read_exact(3) {
            Ok(v) => v,
            Err(e) => {
                return Err(e);
            },
        };
        let version = if ver[0] == 0x38 && ver[1] == 0x37 && ver[2] == 0x61 {
            Version::Version87a
        } else if ver[0] == 0x38 && ver[1] == 0x39 && ver[2] == 0x61 {
            Version::Version89a
        } else {
            return Err(DecodeError::UnsupportedVersion);
        };
        if cur.remaining_len() < 7 {
            return Err(DecodeError::TruncatedInput);
        }
        let width = match cur.read_u16_le() {
            Ok(v) => v,
            Err(e) => {
                return Err(e);
            },
        };
        let height = match cur.read_u16_le() {
            Ok(v) => v,
            Err(e) => {
                return Err(e);
            },
        };
        let packed = match cur.read_u8() {
            Ok(b) => b,
            Err(e) => {
                return Err(e);
            },
        };
        let bg = match cur.read_u8() {
            Ok(b) => b,
            Err(e) => {
                return Err(e);
            },
        };
        let aspect = match cur.read_u8() {
            Ok(b) => b,
            Err(e) => {
                return Err(e);
            },
        };
        proof {
            assert(packed & 7 <= 7) by (bit_vector);
            lemma_p2_increases((packed & 7) as int + 1, 8);
            reveal_with_fuel(p2, 13);
        }
        let count16 = pow2_u16((packed & 7) as u16 + 1);
        self.version = version;
        self.width = width;
        self.height = height;
        self.color_count = count16 as usize;
        self.background_color_index = bg;
        self.pixel_aspect_ratio = aspect;
        if packed & 0x80 != 0 {
            match self.ReadColorTable(cur) {
                Ok(()) => {},
                Err(e) => {
                    return Err(e);
                },
            }
        }
        Ok(())
    }
}

impl GifReader {
    /// Drives the decode: parses the header if not yet done, then
    /// walks the top-level blocks, assembling each image into the
    /// canvas and handing the finished frames to `sink` in decode
    /// order.
    ///
    /// The whole call is pinned to `spec_read_from`, the denotation
    /// of the remaining stream: a well-formed stream ends `Finished`
    /// with exactly the denoted frames delivered, in order; `Blocked`
    /// delivers a prefix and retains the next denoted frame, and the
    /// rest of the denotation is what the next call continues from;
    /// a malformed stream delivers the denoted frames and fails with
    /// exactly the denoted error, after which the reader stays
    /// `Failed` for good. Frames already delivered are never
    /// retracted or reordered.
    #[allow(non_snake_case)]
    #[verifier::spinoff_prover]
    #[verifier::rlimit(100)]
    pub fn Read(&mut self, source: &Vec<u8>, sink: &mut FrameChannel) -> (r: Result<
        ReadStatus,
        DecodeError,
    >)
        requires
            old(self).wf(),
            old(sink).wf(),
            8 * source@.len() <= usize::MAX as int,
        ensures
            final(self).wf(),
            final(sink).wf(),
            final(sink).capacity_spec() == old(sink).capacity_spec(),
            final(sink).is_closed() == old(sink).is_closed(),
            final(sink).frames().len() >= old(sink).frames().len(),
            final(sink).frames().subrange(0, old(sink).frames().len() as int) == old(sink).frames(),
            match r {
                Ok(st) => match st {
                    ReadStatus::Finished => final(self).state == PipelineState::Done && final(self).pending is None,
                    ReadStatus::Blocked => final(self).state == PipelineState::AwaitingBlock
                        && final(self).pending is Some && final(sink).frames().len() == final(sink).capacity_spec() && !final(sink).is_closed(),
                    ReadStatus::Aborted => final(self).state == PipelineState::Aborted && (old(self).state == PipelineState::Aborted || final(sink).is_closed()),
                },
                Err(e) => final(self).state == PipelineState::Failed && final(self).error == Some(
                    e,
                ),
            },
            old(self).state == PipelineState::Done ==> r == Ok::<ReadStatus, DecodeError>(
                ReadStatus::Finished,
            ) && *final(self) == *old(self) && *final(sink) == *old(sink),
            old(self).state == PipelineState::Aborted ==> r == Ok::<ReadStatus, DecodeError>(
                ReadStatus::Aborted,
            ) && *final(self) == *old(self) && *final(sink) == *old(sink),
            old(self).state == PipelineState::Failed ==> (r matches Err(e) && old(self).error
                == Some(e)) && *final(self) == *old(self) && *final(sink) == *old(sink),
            old(self).state == PipelineState::Start || old(self).state
                == PipelineState::AwaitingBlock ==> ({
                let dn = spec_read_from(*old(self), source@);
                let delivered = final(sink).frames().skip(old(sink).frames().len() as int);
                match r {
                    Ok(st) => match st {
                        ReadStatus::Finished => dn.1 == Ok::<(), DecodeError>(())
                            && models_match(delivered, dn.0),
                        ReadStatus::Blocked => exists|j: int|
                            0 <= j < dn.0.len() && models_match(delivered, dn.0.take(j)) && (
                            final(self).pending matches Some(f) && frame_matches(f, dn.0[j]))
                                && spec_read_from(*final(self), source@) == ((
                            dn.0.skip(j),
                            dn.1,
                        )),
                        ReadStatus::Aborted => exists|j: int|
                            0 <= j <= dn.0.len() && models_match(delivered, dn.0.take(j)),
                    },
                    Err(e) => dn.1 == Err::<(), DecodeError>(e) && models_match(delivered, dn.0),
                }
            }),
    {
        let ghost base_frames = sink.frames();
        let ghost dn = spec_read_from(*old(self), source@);
        match self.state {
            PipelineState::Done => {
                return Ok(ReadStatus::Finished);
            },
            PipelineState::Aborted => {
                return Ok(ReadStatus::Aborted);
            },
            PipelineState::Failed => {
                match self.error {
                    Some(e) => {
                        return Err(e);
                    },
                    None => {
                        proof {
                            assert(false);
                        }
                        return Err(DecodeError::MalformedBlock);
                    },
                }
            },
            _ => {},
        }
        let held = self.pending.take();
        match held {
            Some(frame) => {
                let ghost fm0 = frame_model(frame);
                match sink.send(frame) {
                    SendOutcome::Sent => {
                        proof {
                            assert(sink.frames().subrange(0, base_frames.len() as int)
                                =~= base_frames);
                            assert(sink.frames().skip(base_frames.len() as int) =~= seq![
                                sink.frames().last(),
                            ]);
                        }
                    },
                    SendOutcome::Full(f) => {
                        self.pending = Some(f);
                        proof {
                            assert(models_of(sink.frames().skip(base_frames.len() as int)) =~~=
                                Seq::<FrameModel>::empty());
                            assert(dn.0.take(0) =~= Seq::<FrameModel>::empty());
                            assert(dn.0[0] == fm0);
                            assert(dn.0.skip(0) =~= dn.0);
                            assert(*self == *old(self));
                            assert(0 <= 0 < dn.0.len() && models_match(
                                sink.frames().skip(base_frames.len() as int),
                                dn.0.take(0),
                            ) && (self.pending matches Some(pf) && frame_matches(pf, dn.0[0]))
                                && spec_read_from(*self, source@) == ((dn.0.skip(0), dn.1)));
                        }
                        return Ok(ReadStatus::Blocked);
                    },
                    SendOutcome::Disconnected(_f) => {
                        self.state = PipelineState::Aborted;
                        proof {
                            assert(models_of(sink.frames().skip(base_frames.len() as int)) =~~=
                                Seq::<FrameModel>::empty());
                            assert(dn.0.take(0) =~= Seq::<FrameModel>::empty());
                        }
                        return Ok(ReadStatus::Aborted);
                    },
                }
            },
            None => {},
        }
        if self.pos > source.len() {
            proof {
                assert(models_of(sink.frames().skip(base_frames.len() as int)) =~~= dn.0);
            }
            let er = self.fail(DecodeError::TruncatedInput);
            return Err(er);
        }
        let mut cur = ByteCursor::new_at(source, self.pos);
        match self.state {
            PipelineState::Start => {
                match self.ReadHeader(&mut cur) {
                    Ok(()) => {},
                    Err(e) => {
                        proof {
                            assert(models_of(sink.frames().skip(base_frames.len() as int)) =~~=
                                dn.0);
                        }
                        self.pos = cur.offset();
                        let er = self.fail(e);
                        return Err(er);
                    },
                }
                proof {
                    assert(self.width as int * self.height as int <= 0xffff_ffff)
                        by (nonlinear_arith)
                        requires
                            self.width as int <= 0xffff && self.height as int <= 0xffff,
                    ;
                }
                self.canvas = zero_pixels((self.width as usize) * (self.height as usize));
                self.state = PipelineState::AwaitingBlock;
                self.pos = cur.offset();
                proof {
                    assert(self.canvas@ =~= Seq::new(
                        (self.width as int * self.height as int) as nat,
                        |i: int| 0u32,
                    ));
                }
            },
            _ => {},
        }
        proof {
            assert(models_of(sink.frames().skip(base_frames.len() as int)) + spec_blocks(
                source@,
                cur.position(),
                self.width,
                self.height,
                self.color_table@,
                self.background_color_index,
                self.canvas@,
                self.control,
            ).0 =~= dn.0);
        }
        loop
            invariant
                old(self).state == PipelineState::Start || old(self).state
                    == PipelineState::AwaitingBlock,
                self.state == PipelineState::AwaitingBlock,
                self.color_table@.len() == 256,
                self.color_count <= 256,
                self.canvas@.len() == self.width as int * self.height as int,
                self.pending is None,
                cur.wf(),
                cur.bytes() == source@,
                8 * source@.len() <= usize::MAX as int,
                sink.wf(),
                sink.capacity_spec() == old(sink).capacity_spec(),
                sink.is_closed() == old(sink).is_closed(),
                sink.frames().len() >= base_frames.len(),
                sink.frames().subrange(0, base_frames.len() as int) == base_frames,
                base_frames == old(sink).frames(),
                dn == spec_read_from(*old(self), source@),
                ({
                    let rest = spec_blocks(
                        source@,
                        cur.position(),
                        self.width,
                        self.height,
                        self.color_table@,
                        self.background_color_index,
                        self.canvas@,
                        self.control,
                    );
                    dn.0 == models_of(sink.frames().skip(base_frames.len() as int)) + rest.0
                        && dn.1 == rest.1
                }),
            decreases source@.len() - cur.position(),
        {
            let ghost bpos = cur.position();
            let ghost delivered0 = sink.frames().skip(base_frames.len() as int);
            let ghost rest0 = spec_blocks(
                source@,
                bpos,
                self.width,
                self.height,
                self.color_table@,
                self.background_color_index,
                self.canvas@,
                self.control,
            );
            let kind = match read_introducer(&mut cur) {
                Ok(k) => k,
                Err(e) => {
                    proof {
                        assert(rest0.0 =~= Seq::<FrameModel>::empty());
                        assert(dn.0 =~= models_of(delivered0));
                    }
                    self.pos = cur.offset();
                    let er = self.fail(e);
                    return Err(er);
                },
            };
            match kind {
                BlockKind::Trailer => {
                    proof {
                        assert(rest0.0 =~= Seq::<FrameModel>::empty());
                        assert(dn.0 =~= models_of(delivered0));
                    }
                    self.pos = cur.offset();
                    self.state = PipelineState::Done;
                    return Ok(ReadStatus::Finished);
                },
                BlockKind::Extension => {
                    match parse_extension(&mut cur, &mut self.control) {
                        Ok(()) => {},
                        Err(e) => {
                            proof {
                                assert(rest0.0 =~= Seq::<FrameModel>::empty());
                                assert(dn.0 =~= models_of(delivered0));
                            }
                            self.pos = cur.offset();
                            let er = self.fail(e);
                            return Err(er);
                        },
                    }
                },
                BlockKind::Image => {
                    let desc = match read_image_descriptor(&mut cur) {
                        Ok(d) => d,
                        Err(e) => {
                            proof {
                                assert(rest0.0 =~= Seq::<FrameModel>::empty());
                                assert(dn.0 =~= models_of(delivered0));
                            }
                            self.pos = cur.offset();
                            let er = self.fail(e);
                            return Err(er);
                        },
                    };
                    if desc.left as usize + (desc.width as usize) > self.width as usize || desc.top
                        as usize + (desc.height as usize) > self.height as usize {
                        proof {
                            assert(rest0.0 =~= Seq::<FrameModel>::empty());
                            assert(dn.0 =~= models_of(delivered0));
                        }
                        self.pos = cur.offset();
                        let er = self.fail(DecodeError::MalformedBlock);
                        return Err(er);
                    }
                    let palette: Vec<u32> = if desc.has_local_table {
                        proof {
                            let pb = cur.bytes()[cur.position() - 1];
                            assert(pb & 7 <= 7) by (bit_vector);
                            lemma_p2_increases((pb & 7) as int + 1, 8);
                            reveal_with_fuel(p2, 13);
                        }
                        match read_palette(&mut cur, desc.local_table_size as usize) {
                            Ok(t) => t,
                            Err(e) => {
                                proof {
                                    assert(rest0.0 =~= Seq::<FrameModel>::empty());
                                    assert(dn.0 =~= models_of(delivered0));
                                }
                                self.pos = cur.offset();
                                let er = self.fail(e);
                                return Err(er);
                            },
                        }
                    } else {
                        copy_pixels(&self.color_table)
                    };
                    let mcs = match cur.read_u8() {
                        Ok(b) => b,
                        Err(e) => {
                            proof {
                                assert(rest0.0 =~= Seq::<FrameModel>::empty());
                                assert(dn.0 =~= models_of(delivered0));
                            }
                            self.pos = cur.offset();
                            let er = self.fail(e);
                            return Err(er);
                        },
                    };
                    if mcs < 2 || mcs > 8 {
                        proof {
                            assert(rest0.0 =~= Seq::<FrameModel>::empty());
                            assert(dn.0 =~= models_of(delivered0));
                        }
                        self.pos = cur.offset();
                        let er = self.fail(DecodeError::MalformedBlock);
                        return Err(er);
                    }
                    let ghost data_at = cur.position();
                    let data = match read_sub_blocks(&mut cur) {
                        Ok(v) => v,
                        Err(e) => {
                            proof {
                                assert(rest0.0 =~= Seq::<FrameModel>::empty());
                                assert(dn.0 =~= models_of(delivered0));
                            }
                            self.pos = cur.offset();
                            let er = self.fail(e);
                            return Err(er);
                        },
                    };
                    proof {
                        lemma_sub_blocks_len(source@, data_at);
                    }
                    proof {
                        assert(desc.width as int * desc.height as int <= 0xffff_ffff)
                            by (nonlinear_arith)
                            requires
                                desc.width as int <= 0xffff && desc.height as int <= 0xffff,
                        ;
                    }
                    let expected = (desc.width as usize) * (desc.height as usize);
                    let indices = match lzw_decode(&data, mcs, expected) {
                        Ok(v) => v,
                        Err(e) => {
                            proof {
                                assert(rest0.0 =~= Seq::<FrameModel>::empty());
                                assert(dn.0 =~= models_of(delivered0));
                            }
                            self.pos = cur.offset();
                            let er = self.fail(e);
                            return Err(er);
                        },
                    };
                    proof {
                        lemma_lzw_output_len(
                            data@,
                            mcs as int,
                            0,
                            init_state(mcs as int),
                            Seq::<u8>::empty(),
                            expected as int,
                        );
                    }
                    let prior: Vec<u32> = match self.control.disposal {
                        DisposalMethod::RestoreToPrevious => copy_region(
                            &self.canvas,
                            self.width,
                            self.height,
                            desc.left,
                            desc.top,
                            desc.width,
                            desc.height,
                        ),
                        _ => Vec::new(),
                    };
                    let control = self.control;
                    let ghost cpre = self.canvas@;
                    let frame = assemble(
                        &indices,
                        &desc,
                        &palette,
                        &control,
                        &mut self.canvas,
                        self.width,
                        self.height,
                    );
                    let ghost cmid = self.canvas@;
                    let bg: u32 = match control.transparent_index {
                        Some(_) => 0u32,
                        None => self.color_table[self.background_color_index as usize]
                            | 0xff00_0000u32,
                    };
                    dispose(
                        &mut self.canvas,
                        self.width,
                        self.height,
                        &desc,
                        control.disposal,
                        &prior,
                        bg,
                    );
                    proof {
                        lemma_composite_pointwise(
                            cpre,
                            cmid,
                            indices@,
                            desc,
                            palette@,
                            control,
                            self.width,
                            self.height,
                        );
                        assert(bg == crate::frame::disposal_bg(
                            control,
                            self.color_table@,
                            self.background_color_index,
                        ));
                        lemma_disposed_pointwise(
                            cmid,
                            self.canvas@,
                            cpre,
                            prior@,
                            desc,
                            control,
                            self.color_table@,
                            self.background_color_index,
                            self.width,
                            self.height,
                        );
                    }
                    self.control = GraphicControlState::defaults();
                    self.pos = cur.offset();
                    let ghost fm = frame_model(frame);
                    proof {
                        assert(rest0.0 =~= seq![fm] + spec_blocks(
                            source@,
                            cur.position(),
                            self.width,
                            self.height,
                            self.color_table@,
                            self.background_color_index,
                            self.canvas@,
                            self.control,
                        ).0);
                    }
                    match sink.send(frame) {
                        SendOutcome::Sent => {
                            proof {
                                assert(sink.frames().subrange(0, base_frames.len() as int)
                                    =~= base_frames);
                                assert(sink.frames().skip(base_frames.len() as int)
                                    =~= delivered0.push(sink.frames().last()));
                                assert(models_of(sink.frames().skip(base_frames.len() as int))
                                    =~~= models_of(delivered0).push(fm));
                                assert(models_of(delivered0).push(fm) + spec_blocks(
                                    source@,
                                    cur.position(),
                                    self.width,
                                    self.height,
                                    self.color_table@,
                                    self.background_color_index,
                                    self.canvas@,
                                    self.control,
                                ).0 =~= dn.0);
                            }
                        },
                        SendOutcome::Full(f) => {
                            self.pending = Some(f);
                            proof {
                                let j = delivered0.len() as int;
                                assert(models_of(delivered0) =~= dn.0.take(j));
                                assert(dn.0[j] == fm);
                                assert(spec_read_from(*self, source@).0 =~= dn.0.skip(j));
                                assert(spec_read_from(*self, source@) == ((dn.0.skip(j), dn.1)));
                                assert(0 <= j < dn.0.len() && models_match(
                                    sink.frames().skip(base_frames.len() as int),
                                    dn.0.take(j),
                                ) && (self.pending matches Some(pf) && frame_matches(pf, dn.0[j]))
                                    && spec_read_from(*self, source@) == ((dn.0.skip(j), dn.1)));
                            }
                            return Ok(ReadStatus::Blocked);
                        },
                        SendOutcome::Disconnected(_f) => {
                            self.state = PipelineState::Aborted;
                            proof {
                                let j = delivered0.len() as int;
                                assert(models_of(delivered0) =~= dn.0.take(j));
                                assert(0 <= j <= dn.0.len() && models_match(
                                    sink.frames().skip(base_frames.len() as int),
                                    dn.0.take(j),
                                ));
                            }
                            return Ok(ReadStatus::Aborted);
                        },
                    }
                },
            }
        }
    }
}

} // verus!
