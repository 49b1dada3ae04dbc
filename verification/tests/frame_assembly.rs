use gif_reader::frame::DisposalMethod;
use gif_reader::frame::GraphicControlState;
use gif_reader::frame::ImageDescriptor;
use gif_reader::frame::assemble;
use gif_reader::frame::copy_region;
use gif_reader::frame::dispose;

fn descriptor(left: u16, top: u16, w: u16, h: u16, interlaced: bool) -> ImageDescriptor {
    ImageDescriptor {
        left,
        top,
        width: w,
        height: h,
        interlaced,
        has_local_table: false,
        local_table_size: 2,
    }
}

fn palette256(first: &[u32]) -> Vec<u32> {
    let mut p = vec![0u32; 256];
    for (i, &c) in first.iter().enumerate() {
        p[i] = c;
    }
    p
}

fn control_plain() -> GraphicControlState {
    GraphicControlState {
        disposal: DisposalMethod::NoDisposal,
        delay_cs: 0,
        transparent_index: None,
        user_input: false,
    }
}

#[test]
fn transparent_pixels_preserve_canvas() {
    // Index 1 is transparent: cells it covers keep what was beneath.
    let mut canvas = vec![0xff00_0007u32; 4];
    let palette = palette256(&[0x111111, 0x222222]);
    let mut control = control_plain();
    control.transparent_index = Some(1);
    let desc = descriptor(0, 0, 2, 2, false);
    let indices = vec![0u8, 1, 1, 0];
    let frame = assemble(&indices, &desc, &palette, &control, &mut canvas, 2, 2);
    assert_eq!(canvas[0], 0xff11_1111);
    assert_eq!(canvas[1], 0xff00_0007); // untouched beneath transparency
    assert_eq!(canvas[2], 0xff00_0007);
    assert_eq!(canvas[3], 0xff11_1111);
    assert_eq!(frame.pixels, canvas);
}

#[test]
fn assemble_leaves_cells_outside_region() {
    // A 1x1 image at (1, 1) of a 3x3 canvas: the other 8 cells keep
    // their value.
    let mut canvas = vec![5u32; 9];
    let palette = palette256(&[0xabcdef]);
    let control = control_plain();
    let desc = descriptor(1, 1, 1, 1, false);
    let indices = vec![0u8];
    assemble(&indices, &desc, &palette, &control, &mut canvas, 3, 3);
    for p in 0..9 {
        if p == 4 {
            assert_eq!(canvas[p], 0xffab_cdef);
        } else {
            assert_eq!(canvas[p], 5);
        }
    }
}

#[test]
fn interlaced_rows_fill_in_four_pass_order() {
    // Height 4, width 1: decoded rows land on rows 0, 2, 1, 3.
    let mut canvas = vec![0u32; 4];
    let palette = palette256(&[0xa, 0xb, 0xc, 0xd]);
    let control = control_plain();
    let desc = descriptor(0, 0, 1, 4, true);
    let indices = vec![0u8, 1, 2, 3];
    assemble(&indices, &desc, &palette, &control, &mut canvas, 1, 4);
    assert_eq!(canvas[0], 0xff00_000a); // decoded row 0
    assert_eq!(canvas[2], 0xff00_000b); // decoded row 1
    assert_eq!(canvas[1], 0xff00_000c); // decoded row 2
    assert_eq!(canvas[3], 0xff00_000d); // decoded row 3
}

#[test]
fn frame_carries_control_metadata() {
    let mut canvas = vec![0u32; 1];
    let palette = palette256(&[0x1]);
    let mut control = control_plain();
    control.delay_cs = 25;
    control.disposal = DisposalMethod::RestoreToBackground;
    let desc = descriptor(0, 0, 1, 1, false);
    let frame = assemble(&vec![0u8], &desc, &palette, &control, &mut canvas, 1, 1);
    assert_eq!(frame.delay_cs, 25);
    assert!(matches!(frame.disposal, DisposalMethod::RestoreToBackground));
    assert_eq!(frame.width, 1);
    assert_eq!(frame.height, 1);
}

#[test]
fn restore_to_background_clears_region_only() {
    // Whatever was painted, the affected region comes out at the
    // background value and the rest stays.
    let mut canvas = vec![9u32; 9];
    let desc = descriptor(1, 1, 2, 2, false);
    let prior = Vec::new();
    dispose(&mut canvas, 3, 3, &desc, DisposalMethod::RestoreToBackground, &prior, 0x42);
    for p in 0..9usize {
        let in_region = (p == 4) || (p == 5) || (p == 7) || (p == 8);
        if in_region {
            assert_eq!(canvas[p], 0x42);
        } else {
            assert_eq!(canvas[p], 9);
        }
    }
}

#[test]
fn restore_to_previous_restores_snapshot() {
    let mut canvas = vec![1u32, 2, 3, 4];
    let desc = descriptor(0, 0, 2, 1, false);
    let prior = copy_region(&canvas, 2, 2, 0, 0, 2, 1);
    assert_eq!(prior, vec![1, 2]);
    canvas[0] = 77;
    canvas[1] = 88;
    dispose(&mut canvas, 2, 2, &desc, DisposalMethod::RestoreToPrevious, &prior, 0);
    assert_eq!(canvas, vec![1, 2, 3, 4]);
}

#[test]
fn do_not_dispose_keeps_canvas() {
    let mut canvas = vec![1u32, 2, 3, 4];
    let desc = descriptor(0, 0, 2, 2, false);
    let prior = Vec::new();
    dispose(&mut canvas, 2, 2, &desc, DisposalMethod::DoNotDispose, &prior, 0x42);
    assert_eq!(canvas, vec![1, 2, 3, 4]);
    dispose(&mut canvas, 2, 2, &desc, DisposalMethod::NoDisposal, &prior, 0x42);
    assert_eq!(canvas, vec![1, 2, 3, 4]);
}

#[test]
fn interlace_eight_rows_cover_all_four_passes() {
    // Height 8, width 1: decoded rows land on canvas rows
    // 0, 4, 2, 6, 1, 3, 5, 7 (pass by pass), so reading the canvas
    // top to bottom shows decoded rows 0, 4, 2, 5, 1, 6, 3, 7.
    let mut canvas = vec![0u32; 8];
    let palette = palette256(&[0, 1, 2, 3, 4, 5, 6, 7]);
    let control = control_plain();
    let desc = descriptor(0, 0, 1, 8, true);
    let indices = vec![0u8, 1, 2, 3, 4, 5, 6, 7];
    assemble(&indices, &desc, &palette, &control, &mut canvas, 1, 8);
    let rows: Vec<u32> = canvas.iter().map(|&p| p & 0xff).collect();
    assert_eq!(rows, vec![0, 4, 2, 5, 1, 6, 3, 7]);
}
