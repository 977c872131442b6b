use display_fs::image::Orientation;
use display_fs::port::{DisplayConfig, DisplayModel};
use display_fs::protocol::{
    create_bitmap_header, create_orientation_command, transfer_steps, TransferStep, CMD_END,
    CMD_SET_BITMAP, CMD_SET_ORIENTATION,
};

fn small_config() -> DisplayConfig {
    DisplayModel::Small.config()
}

#[test]
fn test_bitmap_header_structure() {
    let header = create_bitmap_header(small_config());
    assert_eq!(header.len(), 10);
    assert_eq!(header[0], CMD_SET_BITMAP);
    assert_eq!(header[9], CMD_END);
}

#[test]
fn test_bitmap_header_small_display_dimensions() {
    let header = create_bitmap_header(small_config());
    // x0 = 0, y0 = 0
    assert_eq!(&header[1..5], &[0x00, 0x00, 0x00, 0x00]);
    // Physical: x1 = 79 (0x4F), y1 = 159 (0x9F)
    assert_eq!(&header[5..9], &[0x4F, 0x00, 0x9F, 0x00]);
}

#[test]
fn test_bitmap_header_large_display_dimensions() {
    let header = create_bitmap_header(DisplayModel::Large.config());
    assert_eq!(header[5], 0x3F); // x1 low (319)
    assert_eq!(header[6], 0x01); // x1 high
    assert_eq!(header[7], 0xDF); // y1 low (479)
    assert_eq!(header[8], 0x01); // y1 high
}

#[test]
fn test_command_constants() {
    assert_eq!(CMD_SET_BITMAP, 0x05);
    assert_eq!(CMD_END, 0x0A);
}

#[test]
fn test_orientation_command_values() {
    assert_eq!(create_orientation_command(Orientation::Portrait)[1], 0);
    assert_eq!(create_orientation_command(Orientation::Landscape)[1], 1);
    assert_eq!(create_orientation_command(Orientation::PortraitFlip)[1], 0);
    assert_eq!(create_orientation_command(Orientation::LandscapeFlip)[1], 1);
}

#[test]
fn orientation_command_frame() {
    assert_eq!(create_orientation_command(Orientation::Landscape), [CMD_SET_ORIENTATION, 1, CMD_END]);
}

#[test]
fn transfer_steps_stream_in_two_row_chunks() {
    let config = DisplayConfig { model: DisplayModel::Small, width: 2, height: 3, baud_rate: 9600 };
    // 2 x 3 pixels = 12 bytes; chunks of 2 * 4 = 8 bytes.
    let data: Vec<u8> = (0u8..12).collect();
    let steps = transfer_steps(config, &data, Orientation::Portrait);
    assert_eq!(steps.len(), 10);
    assert!(matches!(steps[0], TransferStep::ClearBuffers));
    match &steps[1] {
        TransferStep::Write(bytes) => assert_eq!(bytes, &vec![CMD_SET_ORIENTATION, 0, CMD_END]),
        other => panic!("unexpected step {:?}", other),
    }
    assert!(matches!(steps[2], TransferStep::Flush));
    assert!(matches!(steps[3], TransferStep::Sleep(50)));
    match &steps[4] {
        TransferStep::Write(bytes) => {
            assert_eq!(bytes, &vec![CMD_SET_BITMAP, 0, 0, 0, 0, 1, 0, 2, 0, CMD_END])
        }
        other => panic!("unexpected step {:?}", other),
    }
    assert!(matches!(steps[5], TransferStep::Flush));
    match (&steps[6], &steps[7]) {
        (TransferStep::Write(a), TransferStep::Write(b)) => {
            assert_eq!(a, &(0u8..8).collect::<Vec<u8>>());
            assert_eq!(b, &(8u8..12).collect::<Vec<u8>>());
        }
        other => panic!("unexpected steps {:?}", other),
    }
    assert!(matches!(steps[8], TransferStep::Flush));
    assert!(matches!(steps[9], TransferStep::Sleep(100)));
}

#[test]
fn transfer_steps_without_pixels() {
    let steps = transfer_steps(small_config(), &[], Orientation::LandscapeFlip);
    assert_eq!(steps.len(), 8);
    assert!(matches!(steps[6], TransferStep::Flush));
}
