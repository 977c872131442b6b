//! The serial command protocol of the display.
use vstd::prelude::*;
use crate::image::Orientation;
use crate::port::DisplayConfig;
use crate::strings::chunks;

verus! {

/// Command byte that sets the panel orientation.
pub const CMD_SET_ORIENTATION: u8 = 0x02;

/// Command byte that starts a bitmap transfer.
pub const CMD_SET_BITMAP: u8 = 0x05;

/// Byte that ends a command.
pub const CMD_END: u8 = 0x0A;

/// Pause after the orientation command, in milliseconds.
pub const ORIENTATION_SETTLE_MS: u64 = 50;

/// Pause after the last bitmap byte, in milliseconds.
pub const FRAME_SETTLE_MS: u64 = 100;

/// Failure to send a frame; carries the operating system's message.
#[derive(Debug)]
pub enum ProtocolError {
    SendFailed(String),
}

/// The low byte of a 16-bit value.
pub open spec fn low_byte(v: u16) -> u8 {
    (v % 256) as u8
}

/// The high byte of a 16-bit value.
pub open spec fn high_byte(v: u16) -> u8 {
    (v / 256) as u8
}

fn split_u16(v: u16) -> (r: (u8, u8))
    ensures
        r.0 == low_byte(v),
        r.1 == high_byte(v),
{
    let lo = (v & 0xFF) as u8;
    let hi = (v >> 8) as u8;
    assert(lo == v % 256 && hi == v / 256) by (bit_vector)
        requires
            lo == (v & 0xFF) as u8,
            hi == (v >> 8) as u8,
    ;
    (lo, hi)
}

/// The bitmap command for the whole physical panel: the window from (0, 0)
/// to (width - 1, height - 1), each coordinate a little-endian 16-bit value.
pub open spec fn spec_bitmap_header(config: DisplayConfig) -> Seq<u8> {
    let x1 = (config.width - 1) as u16;
    let y1 = (config.height - 1) as u16;
    seq![
        CMD_SET_BITMAP,
        0u8,
        0u8,
        0u8,
        0u8,
        low_byte(x1),
        high_byte(x1),
        low_byte(y1),
        high_byte(y1),
        CMD_END,
    ]
}

/// Bitmap command covering the full physical screen of the given display.
/// Rotation is handled in the image data, so the header always uses
/// physical (portrait) dimensions.
pub fn create_bitmap_header(config: DisplayConfig) -> (header: [u8; 10])
    requires
        config.width >= 1,
        config.height >= 1,
    ensures
        header@ == spec_bitmap_header(config),
{
    let x0: u16 = 0;
    let y0: u16 = 0;
    let x1: u16 = config.width - 1;
    let y1: u16 = config.height - 1;
    let (x0_lo, x0_hi) = split_u16(x0);
    let (y0_lo, y0_hi) = split_u16(y0);
    let (x1_lo, x1_hi) = split_u16(x1);
    let (y1_lo, y1_hi) = split_u16(y1);
    let header = [CMD_SET_BITMAP, x0_lo, x0_hi, y0_lo, y0_hi, x1_lo, x1_hi, y1_lo, y1_hi, CMD_END];
    assert(header@ =~= spec_bitmap_header(config));
    header
}

/// The orientation byte: 0 for the portrait variants, 1 for the landscape
/// ones.
pub open spec fn orientation_value(orientation: Orientation) -> u8 {
    if orientation.is_landscape() {
        1
    } else {
        0
    }
}

/// Orientation command to initialise the display orientation. Flip
/// variants are handled in the image data rotation.
pub fn create_orientation_command(orientation: Orientation) -> (cmd: [u8; 3])
    ensures
        cmd@ == seq![CMD_SET_ORIENTATION, orientation_value(orientation), CMD_END],
{
    let orientation_value: u8 = match orientation {
        Orientation::Portrait | Orientation::PortraitFlip => 0,
        Orientation::Landscape | Orientation::LandscapeFlip => 1,
    };
    let cmd = [CMD_SET_ORIENTATION, orientation_value, CMD_END];
    assert(cmd@ =~= seq![CMD_SET_ORIENTATION, orientation_value, CMD_END]);
    cmd
}


/// One step of sending a frame over the serial port.
#[derive(Debug)]
pub enum TransferStep {
    /// Discard whatever both directions of the port still buffer.
    ClearBuffers,
    /// Write all of the bytes.
    Write(Vec<u8>),
    /// Wait until everything written has been sent.
    Flush,
    /// Pause for the given number of milliseconds.
    Sleep(u64),
}

/// What a transfer step does, with its bytes as a sequence.
pub enum StepView {
    ClearBuffers,
    Write(Seq<u8>),
    Flush,
    Sleep(u64),
}

impl View for TransferStep {
    type V = StepView;

    open spec fn view(&self) -> StepView {
        match self {
            TransferStep::ClearBuffers => StepView::ClearBuffers,
            TransferStep::Write(bytes) => StepView::Write(bytes@),
            TransferStep::Flush => StepView::Flush,
            TransferStep::Sleep(ms) => StepView::Sleep(*ms),
        }
    }
}

/// Bytes per write when streaming a frame: two physical rows of RGB565
/// pixels.
pub open spec fn chunk_size(config: DisplayConfig) -> nat {
    (config.width * 4) as nat
}

/// The steps that send one frame: clear the port, set the orientation and
/// let it settle, announce the full-screen bitmap, stream the pixel bytes in
/// pieces of `chunk_size`, then flush and let the panel settle.
pub open spec fn spec_transfer_steps(config: DisplayConfig, image_data: Seq<u8>, orientation: Orientation) -> Seq<
    StepView,
> {
    seq![
        StepView::ClearBuffers,
        StepView::Write(seq![CMD_SET_ORIENTATION, orientation_value(orientation), CMD_END]),
        StepView::Flush,
        StepView::Sleep(ORIENTATION_SETTLE_MS),
        StepView::Write(spec_bitmap_header(config)),
        StepView::Flush,
    ] + chunks(image_data, chunk_size(config)).map_values(|c: Seq<u8>| StepView::Write(c)) + seq![
        StepView::Flush,
        StepView::Sleep(FRAME_SETTLE_MS),
    ]
}

/// The steps that send a full-screen RGB565 frame to the display.
pub fn transfer_steps(config: DisplayConfig, image_data: &[u8], orientation: Orientation) -> (steps: Vec<
    TransferStep,
>)
    requires
        config.width >= 1,
        config.height >= 1,
    ensures
        steps@.map_values(|s: TransferStep| s@) == spec_transfer_steps(
            config,
            image_data@,
            orientation,
        ),
{
    let mut steps: Vec<TransferStep> = Vec::new();
    steps.push(TransferStep::ClearBuffers);
    let orient_cmd = create_orientation_command(orientation);
    steps.push(TransferStep::Write(vstd::slice::slice_to_vec(orient_cmd.as_slice())));
    steps.push(TransferStep::Flush);
    steps.push(TransferStep::Sleep(ORIENTATION_SETTLE_MS));
    let header = create_bitmap_header(config);
    steps.push(TransferStep::Write(vstd::slice::slice_to_vec(header.as_slice())));
    steps.push(TransferStep::Flush);
    let ghost prefix = steps@.map_values(|s: TransferStep| s@);
    assert(prefix =~= seq![
        StepView::ClearBuffers,
        StepView::Write(seq![CMD_SET_ORIENTATION, orientation_value(orientation), CMD_END]),
        StepView::Flush,
        StepView::Sleep(ORIENTATION_SETTLE_MS),
        StepView::Write(spec_bitmap_header(config)),
        StepView::Flush,
    ]);
    let chunk_size = config.width as usize * 4;
    let ghost n = chunk_size as nat;
    let ghost all = chunks(image_data@, n);
    let len = image_data.len();
    let mut pos: usize = 0;
    assert(image_data@.skip(0) =~= image_data@);
    assert(all.take(0) =~= Seq::<Seq<u8>>::empty());
    let ghost done: nat = 0;
    while pos < len
        invariant
            len == image_data@.len(),
            n == chunk_size,
            chunk_size > 0,
            chunk_size == config.width as int * 4,
            pos <= len,
            all == chunks(image_data@, n),
            done <= all.len(),
            chunks(image_data@.skip(pos as int), n) == all.skip(done as int),
            steps@.map_values(|s: TransferStep| s@) == prefix + all.take(done as int).map_values(
                |c: Seq<u8>| StepView::Write(c),
            ),
        decreases len - pos,
    {
        let rest = len - pos;
        let end = if rest <= chunk_size {
            len
        } else {
            pos + chunk_size
        };
        let piece = vstd::slice::slice_to_vec(&image_data[pos..end]);
        let ghost tail = image_data@.skip(pos as int);
        proof {
            assert(all.skip(done as int).len() > 0);
            if rest <= chunk_size {
                assert(piece@ =~= tail);
                assert(image_data@.skip(end as int) =~= Seq::<u8>::empty());
            } else {
                assert(piece@ =~= tail.take(n as int));
                assert(tail.skip(n as int) =~= image_data@.skip(end as int));
            }
            assert(all.skip(done as int)[0] == piece@);
            assert(all.skip(done as int).skip(1) =~= all.skip(done as int + 1));
            assert(all.take(done as int + 1) =~= all.take(done as int).push(piece@));
        }
        let ghost before = steps@;
        steps.push(TransferStep::Write(piece));
        proof {
            assert(steps@.map_values(|s: TransferStep| s@) =~= before.map_values(
                |s: TransferStep| s@,
            ).push(StepView::Write(all.take(done as int + 1).last())));
            assert(all.take(done as int + 1).map_values(|c: Seq<u8>| StepView::Write(c))
                =~= all.take(done as int).map_values(|c: Seq<u8>| StepView::Write(c)).push(
                StepView::Write(all.take(done as int + 1).last()),
            ));
            assert(steps@.map_values(|s: TransferStep| s@) =~= prefix + all.take(done as int + 1).map_values(
                |c: Seq<u8>| StepView::Write(c),
            ));
            done = done + 1;
        }
        pos = end;
    }
    proof {
        assert(chunks(image_data@.skip(pos as int), n) =~= Seq::<Seq<u8>>::empty());
        assert(all.take(done as int) =~= all);
    }
    steps.push(TransferStep::Flush);
    steps.push(TransferStep::Sleep(FRAME_SETTLE_MS));
    assert(steps@.map_values(|s: TransferStep| s@) =~= spec_transfer_steps(
        config,
        image_data@,
        orientation,
    ));
    steps
}


/// A frame starts by clearing the port and then writes the orientation
/// command for the requested orientation: command 0x02, then 1 for the
/// landscape variants and 0 for the portrait ones, then 0x0A; after a flush
/// and a 50 ms pause it writes the bitmap header, whose window ends at
/// (width - 1, height - 1), each a little-endian 16-bit value; and it ends
/// with a flush and a 100 ms pause.
pub proof fn lemma_frame_commands(config: DisplayConfig, image_data: Seq<u8>, orientation: Orientation)
    requires
        config.width >= 1,
        config.height >= 1,
    ensures
        ({
            let steps = spec_transfer_steps(config, image_data, orientation);
            let landscape = orientation == Orientation::Landscape || orientation
                == Orientation::LandscapeFlip;
            &&& steps.len() >= 8
            &&& steps[0] == StepView::ClearBuffers
            &&& steps[1] == StepView::Write(seq![0x02u8, if landscape { 1u8 } else { 0u8 }, 0x0Au8])
            &&& steps[2] == StepView::Flush
            &&& steps[3] == StepView::Sleep(50)
            &&& steps[4] matches StepView::Write(h) && h.len() == 10 && h[0] == 0x05 && h[1] == 0
                && h[2] == 0 && h[3] == 0 && h[4] == 0 && h[5] + 256 * h[6] == config.width - 1
                && h[7] + 256 * h[8] == config.height - 1 && h[9] == 0x0A
            &&& steps[5] == StepView::Flush
            &&& steps[steps.len() - 2] == StepView::Flush
            &&& steps[steps.len() - 1] == StepView::Sleep(100)
        }),
{
    let steps = spec_transfer_steps(config, image_data, orientation);
    let x1 = (config.width - 1) as u16;
    let y1 = (config.height - 1) as u16;
    assert(low_byte(x1) + 256 * high_byte(x1) == x1);
    assert(low_byte(y1) + 256 * high_byte(y1) == y1);
}

/// The pixel bytes are written, between the header and the closing flush,
/// as consecutive pieces of `chunk_size` bytes (the last possibly shorter)
/// that together are exactly the frame's bytes.
pub proof fn lemma_frame_pixels(config: DisplayConfig, image_data: Seq<u8>, orientation: Orientation)
    requires
        config.width >= 1,
        config.height >= 1,
    ensures
        ({
            let steps = spec_transfer_steps(config, image_data, orientation);
            let pieces = chunks(image_data, chunk_size(config));
            &&& steps.len() == 8 + pieces.len()
            &&& forall|i: int|
                0 <= i < pieces.len() ==> steps[6 + i] == StepView::Write(#[trigger] pieces[i])
            &&& pieces.flatten() == image_data
            &&& forall|i: int|
                0 <= i < pieces.len() - 1 ==> (#[trigger] pieces[i]).len() == config.width * 4
            &&& pieces.len() > 0 ==> 1 <= pieces.last().len() <= config.width * 4
        }),
{
    crate::strings::lemma_chunks(image_data, chunk_size(config));
}

} // verus!
